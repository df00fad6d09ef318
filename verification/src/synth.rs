//! Synthetic IID-Bernoulli document-term corpus (Assumption A1), its
//! AND-popcount kernel and exact recall@k under that kernel.

use vstd::prelude::*;
use crate::bits::{bit_of, limb_bit, and_count_below, limbs_and_popcount};
use crate::splitmix::{SplitMix64, splitmix_state, splitmix_output, lemma_splitmix_state_next};

verus! {

/// Bit `b` of document `d` in a flat limb store with `words` limbs per
/// document.
pub open spec fn doc_bit(docs: Seq<u64>, words: nat, d: int, b: int) -> bool {
    bit_of(docs[d * words + b / 64], b % 64)
}

/// Bit `b` of document `d` of the corpus generated by [`Corpus::new`]:
/// set exactly when `b < w` and output number `d * w + b + 1` of the
/// `splitmix64` stream seeded with `seed`, reduced modulo `w`, is below `p`.
pub open spec fn generated_bit(seed: u64, w: nat, p: nat, d: nat, b: nat) -> bool {
    b < w && (splitmix_output(seed, d * w + b + 1) % (w as u64)) < p as u64
}

/// `c` is the corpus [`Corpus::new`] builds from `(n, w, p, seed)`: its
/// shape and every one of its bits.  All such values have the same limbs.
pub open spec fn is_generated(c: Corpus, n: nat, w: nat, p: nat, seed: u64) -> bool {
    &&& c.well_formed()
    &&& c.n == n
    &&& c.w == w
    &&& c.p == p
    &&& forall|d: int, b: int|
        0 <= d < n && 0 <= b < 64 * c.words ==> c.bit(d, b) == generated_bit(
            seed,
            w,
            p,
            d as nat,
            b as nat,
        )
}

pub proof fn lemma_slot_unique(d1: int, q1: int, d2: int, q2: int, words: int)
    requires
        0 <= d1,
        0 <= d2,
        0 <= q1 < words,
        0 <= q2 < words,
        d1 * words + q1 == d2 * words + q2,
    ensures
        d1 == d2,
        q1 == q2,
{
    vstd::arithmetic::div_mod::lemma_fundamental_div_mod_converse(d1 * words + q1, words, d1, q1);
    vstd::arithmetic::div_mod::lemma_fundamental_div_mod_converse(d2 * words + q2, words, d2, q2);
}

pub proof fn lemma_slot_bound(d: int, q: int, words: int, n: int)
    requires
        0 <= d < n,
        0 <= q < words,
    ensures
        0 <= d * words + q < n * words,
        d * words + q + 1 <= (d + 1) * words,
{
    assert(0 <= d * words + q < n * words && d * words + q + 1 <= (d + 1) * words)
        by (nonlinear_arith)
        requires
            0 <= d < n,
            0 <= q < words,
    ;
}

pub proof fn lemma_bit_split(b: int)
    requires
        0 <= b,
    ensures
        b == 64 * (b / 64) + b % 64,
        0 <= b % 64 < 64,
        0 <= b / 64,
{
    vstd::arithmetic::div_mod::lemma_fundamental_div_mod(b, 64);
    vstd::arithmetic::div_mod::lemma_mod_bound(b, 64);
    vstd::arithmetic::div_mod::lemma_div_pos_is_pos(b, 64);
}

pub proof fn lemma_limb_of_bit(b: int, words: int)
    requires
        0 <= b < 64 * words,
    ensures
        0 <= b / 64 < words,
        0 <= b % 64 < 64,
{
    lemma_bit_split(b);
    assert(b / 64 < words) by (nonlinear_arith)
        requires
            b == 64 * (b / 64) + b % 64,
            0 <= b % 64 < 64,
            b < 64 * words,
    ;
}

proof fn lemma_set_mask(x: u64, o: u64, t: u64)
    requires
        o < 64,
        t < 64,
    ensures
        bit_of(x | (1u64 << o), t as int) == (t == o || bit_of(x, t as int)),
        bit_of(x & !(1u64 << o), t as int) == (t != o && bit_of(x, t as int)),
{
    assert(((x | (1u64 << o)) >> t) & 1u64 == 1u64 <==> (t == o || (x >> t) & 1u64 == 1u64))
        by (bit_vector)
        requires
            o < 64,
            t < 64,
    ;
    assert(((x & !(1u64 << o)) >> t) & 1u64 == 1u64 <==> (t != o && (x >> t) & 1u64 == 1u64))
        by (bit_vector)
        requires
            o < 64,
            t < 64,
    ;
}

/// Setting (`set == true`) or clearing bit `b` of document `d` in a flat
/// limb store changes that bit and no other.
pub proof fn lemma_update_doc_bit(
    old_docs: Seq<u64>,
    new_docs: Seq<u64>,
    words: nat,
    n: nat,
    d: int,
    b: int,
    set: bool,
)
    requires
        old_docs.len() == n * words,
        0 <= d < n,
        0 <= b < 64 * words,
        new_docs == old_docs.update(
            d * words + b / 64,
            if set {
                old_docs[d * words + b / 64] | (1u64 << ((b % 64) as u64))
            } else {
                old_docs[d * words + b / 64] & !(1u64 << ((b % 64) as u64))
            },
        ),
    ensures
        forall|d2: int, b2: int|
            0 <= d2 < n && 0 <= b2 < 64 * words ==> doc_bit(new_docs, words, d2, b2) == if d2
                == d && b2 == b {
                set
            } else {
                doc_bit(old_docs, words, d2, b2)
            },
{
    lemma_limb_of_bit(b, words as int);
    assert forall|d2: int, b2: int|
        0 <= d2 < n && 0 <= b2 < 64 * words implies doc_bit(new_docs, words, d2, b2) == if d2
        == d && b2 == b {
        set
    } else {
        doc_bit(old_docs, words, d2, b2)
    } by {
        lemma_limb_of_bit(b2, words as int);
        lemma_slot_bound(d2, b2 / 64, words as int, n as int);
        lemma_slot_bound(d, b / 64, words as int, n as int);
        if d2 * words + b2 / 64 == d * words + b / 64 {
            lemma_slot_unique(d2, b2 / 64, d, b / 64, words as int);
            lemma_bit_split(b);
            lemma_bit_split(b2);
            lemma_set_mask(
                old_docs[d * words + b / 64],
                (b % 64) as u64,
                (b2 % 64) as u64,
            );
        }
    }
}

/// A synthetic IID-Bernoulli(`p / w`) F2 document-term corpus: `n`
/// documents of `w` bit columns, each stored as `words = ceil(w / 64)`
/// consecutive limbs of `docs`.
#[derive(Clone, Debug)]
pub struct Corpus {
    /// Vocabulary size (number of bit columns).
    pub w: usize,
    /// Number of 64-bit words per document, `ceil(w / 64)`.
    pub words: usize,
    /// Documents stored as a flat `n * words` vector.
    pub docs: Vec<u64>,
    /// Number of documents.
    pub n: usize,
    /// Mean per-document load.
    pub p: usize,
}

impl Corpus {
    /// The fields describe the limb store.
    pub open spec fn well_formed(&self) -> bool {
        &&& self.w > 0
        &&& self.n > 0
        &&& self.words == (self.w + 63) / 64
        &&& self.docs.len() == self.n * self.words
    }

    /// The limbs of document `d`.
    pub open spec fn doc_limbs(&self, d: int) -> Seq<u64> {
        self.docs@.subrange(d * self.words, d * self.words + self.words)
    }

    /// Bit `b` of document `d`.
    pub open spec fn bit(&self, d: int, b: int) -> bool {
        doc_bit(self.docs@, self.words as nat, d, b)
    }

    /// AND-popcount of documents `i` and `j`.
    pub open spec fn gram(&self, i: int, j: int) -> nat {
        and_count_below(self.doc_limbs(i), self.doc_limbs(j), 64 * self.words as nat)
    }

    /// AND-popcount score of document `i` against a query.
    pub open spec fn score(&self, query: Seq<u64>, i: int) -> nat {
        and_count_below(self.doc_limbs(i), query, 64 * self.words as nat)
    }

    /// Document `i` comes before document `t` in the ranking for `query`:
    /// higher score first, ties broken by lower index.
    pub open spec fn precedes(&self, query: Seq<u64>, i: int, t: int) -> bool {
        let si = self.score(query, i);
        let st = self.score(query, t);
        si > st || (si == st && i < t)
    }

    /// Number of documents among the first `m` that come before `t`.
    pub open spec fn rank(&self, query: Seq<u64>, t: int, m: nat) -> nat
        decreases m,
    {
        if m == 0 {
            0
        } else {
            self.rank(query, t, (m - 1) as nat) + if self.precedes(query, m - 1, t) {
                1nat
            } else {
                0nat
            }
        }
    }

    /// Document `t` is among the top `k` of the ranking for `query`.
    pub open spec fn in_top_k(&self, query: Seq<u64>, t: int, k: nat) -> bool {
        0 <= t < self.n && self.rank(query, t, self.n as nat) < k
    }

    /// The limbs of document `d` read through `doc_limbs` are its bits.
    pub proof fn lemma_doc_limbs_bits(&self, d: int, b: int)
        requires
            self.well_formed(),
            0 <= d < self.n,
            0 <= b < 64 * self.words,
        ensures
            limb_bit(self.doc_limbs(d), b) == self.bit(d, b),
    {
        lemma_limb_of_bit(b, self.words as int);
        lemma_slot_bound(d, b / 64, self.words as int, self.n as int);
        self.lemma_doc_limbs_len(d);
    }

    /// Document `d`'s limbs are the `words` limbs starting at `d * words`.
    pub proof fn lemma_doc_limbs_len(&self, d: int)
        requires
            self.well_formed(),
            0 <= d < self.n,
        ensures
            self.doc_limbs(d).len() == self.words,
            0 <= d * self.words,
            d * self.words + self.words <= self.docs.len(),
            forall|q: int|
                0 <= q < self.words ==> #[trigger] self.doc_limbs(d)[q] == self.docs@[d
                    * self.words + q],
    {
        assert(0 <= d * self.words && d * self.words + self.words <= self.n * self.words)
            by (nonlinear_arith)
            requires
                0 <= d < self.n,
        ;
    }

    /// Build an `n x w` IID-Bernoulli(`p / w`) corpus seeded by `seed`:
    /// bit `b` of document `d` is drawn from output `d * w + b + 1` of the
    /// `splitmix64` stream; the padding bits past `w` stay clear.
    pub fn new(n: usize, w: usize, p: usize, seed: u64) -> (c: Self)
        requires
            w > 0,
            n > 0,
            w + 63 <= usize::MAX,
            n * ((w + 63) / 64) <= usize::MAX,
        ensures
            c.well_formed(),
            c.n == n,
            c.w == w,
            c.p == p,
            forall|d: int, b: int|
                0 <= d < n && 0 <= b < 64 * c.words ==> c.bit(d, b) == generated_bit(
                    seed,
                    w as nat,
                    p as nat,
                    d as nat,
                    b as nat,
                ),
    {
        let words = (w + 63) / 64;
        proof {
            assert(w <= 64 * words) by (nonlinear_arith)
                requires
                    words == (w + 63) / 64,
                    w > 0,
            {
                lemma_bit_split(w + 63);
            }
        }
        let total = n * words;
        let mut rng = SplitMix64::new(seed);
        let mut docs: Vec<u64> = Vec::new();
        let mut z: usize = 0;
        while z < total
            invariant
                z <= total,
                docs.len() == z,
                forall|j: int| 0 <= j < z ==> docs@[j] == 0u64,
            decreases total - z,
        {
            docs.push(0u64);
            z = z + 1;
        }
        proof {
            assert forall|d2: int, b2: int|
                0 <= d2 < n && 0 <= b2 < 64 * words implies !doc_bit(
                docs@,
                words as nat,
                d2,
                b2,
            ) by {
                lemma_limb_of_bit(b2, words as int);
                lemma_slot_bound(d2, b2 / 64, words as int, n as int);
                let t = (b2 % 64) as u64;
                assert((0u64 >> t) & 1u64 != 1u64) by (bit_vector);
            }
        }
        let p_num = p as u64;
        let p_den = w as u64;
        let mut d: usize = 0;
        while d < n
            invariant
                d <= n,
                words == (w + 63) / 64,
                w <= 64 * words,
                total == n * words,
                docs.len() == total,
                p_num == p,
                p_den == w,
                w > 0,
                rng.state() == splitmix_state(seed, (d * w) as nat),
                forall|d2: int, b2: int|
                    0 <= d2 < n && 0 <= b2 < 64 * words ==> doc_bit(docs@, words as nat, d2, b2)
                        == if d2 < d {
                        generated_bit(seed, w as nat, p as nat, d2 as nat, b2 as nat)
                    } else {
                        false
                    },
            decreases n - d,
        {
            let mut bit: usize = 0;
            while bit < w
                invariant
                    d < n,
                    bit <= w,
                    words == (w + 63) / 64,
                    w <= 64 * words,
                    total == n * words,
                    docs.len() == total,
                    p_num == p,
                    p_den == w,
                    w > 0,
                    rng.state() == splitmix_state(seed, (d * w + bit) as nat),
                    forall|d2: int, b2: int|
                        0 <= d2 < n && 0 <= b2 < 64 * words ==> doc_bit(
                            docs@,
                            words as nat,
                            d2,
                            b2,
                        ) == if d2 < d || (d2 == d && b2 < bit) {
                            generated_bit(seed, w as nat, p as nat, d2 as nat, b2 as nat)
                        } else {
                            false
                        },
                decreases w - bit,
            {
                proof {
                    lemma_splitmix_state_next(seed, (d * w + bit) as nat);
                    lemma_limb_of_bit(bit as int, words as int);
                    lemma_slot_bound(d as int, bit as int / 64, words as int, n as int);
                }
                let coin = rng.bernoulli(p_num, p_den);
                let ghost old_docs = docs@;
                if coin {
                    let off = d * words + bit / 64;
                    let x = docs[off] | (1u64 << ((bit % 64) as u64));
                    docs.set(off, x);
                    proof {
                        lemma_update_doc_bit(
                            old_docs,
                            docs@,
                            words as nat,
                            n as nat,
                            d as int,
                            bit as int,
                            true,
                        );
                    }
                }
                proof {
                    assert(coin == generated_bit(seed, w as nat, p as nat, d as nat, bit as nat));
                }
                bit = bit + 1;
            }
            proof {
                assert(d * w + w == (d + 1) * w) by (nonlinear_arith);
            }
            d = d + 1;
        }
        Corpus { w, words, docs, n, p }
    }

    /// Borrow document `i` as a slice of 64-bit words.
    pub fn doc(&self, i: usize) -> (r: &[u64])
        requires
            self.well_formed(),
            i < self.n,
        ensures
            r@ == self.doc_limbs(i as int),
            r@.len() == self.words,
    {
        proof {
            self.lemma_doc_limbs_len(i as int);
            assert(i * self.words + self.words <= self.n * self.words) by (nonlinear_arith)
                requires
                    i < self.n,
            ;
            assert(i * self.words + self.words == (i + 1) * self.words) by (nonlinear_arith);
        }
        vstd::slice::slice_subrange(self.docs.as_slice(), i * self.words, (i + 1) * self.words)
    }

    /// AND-popcount kernel between documents `i` and `j`.
    pub fn and_popcount(&self, i: usize, j: usize) -> (r: u32)
        requires
            self.well_formed(),
            i < self.n,
            j < self.n,
            self.gram(i as int, j as int) <= u32::MAX,
        ensures
            r == self.gram(i as int, j as int),
    {
        let a = self.doc(i);
        let b = self.doc(j);
        limbs_and_popcount(a, b)
    }
}

/// Whether document `truth_idx` is among the top `k` documents of `corpus`
/// ranked by AND-popcount score against `query`, highest score first and
/// ties broken by lower index.
pub fn recall_at_k(corpus: &Corpus, query: &[u64], truth_idx: usize, k: usize) -> (b: bool)
    requires
        corpus.well_formed(),
        query.len() == corpus.words,
        forall|i: int| 0 <= i < corpus.n ==> #[trigger] corpus.score(query@, i) <= u32::MAX,
    ensures
        b == corpus.in_top_k(query@, truth_idx as int, k as nat),
{
    if truth_idx >= corpus.n {
        return false;
    }
    assert(corpus.score(query@, truth_idx as int) <= u32::MAX);
    let ts = limbs_and_popcount(corpus.doc(truth_idx), query);
    let mut count: usize = 0;
    let mut i: usize = 0;
    while i < corpus.n
        invariant
            corpus.well_formed(),
            query.len() == corpus.words,
            forall|i: int| 0 <= i < corpus.n ==> #[trigger] corpus.score(query@, i) <= u32::MAX,
            truth_idx < corpus.n,
            ts == corpus.score(query@, truth_idx as int),
            i <= corpus.n,
            count == corpus.rank(query@, truth_idx as int, i as nat),
            count <= i,
        decreases corpus.n - i,
    {
        assert(corpus.score(query@, i as int) <= u32::MAX);
        let s = limbs_and_popcount(corpus.doc(i), query);
        assert(s == corpus.score(query@, i as int));
        assert(corpus.precedes(query@, i as int, truth_idx as int) == (s > ts || (s == ts && i
            < truth_idx)));
        if s > ts || (s == ts && i < truth_idx) {
            count = count + 1;
        }
        i = i + 1;
    }
    count < k
}

/// Pointwise AND count against `b` is at most `b`'s count against itself.
proof fn lemma_and_count_le_self(a: Seq<u64>, b: Seq<u64>, n: nat)
    ensures
        and_count_below(a, b, n) <= and_count_below(b, b, n),
    decreases n,
{
    if n > 0 {
        lemma_and_count_le_self(a, b, (n - 1) as nat);
    }
}

proof fn lemma_rank_below(c: &Corpus, query: Seq<u64>, t: int, m: nat)
    requires
        forall|i: int| 0 <= i < m && #[trigger] c.precedes(query, i, t) ==> i < t,
        0 <= t,
    ensures
        c.rank(query, t, m) <= if m < t {
            m as int
        } else {
            t
        },
    decreases m,
{
    if m > 0 {
        lemma_rank_below(c, query, t, (m - 1) as nat);
    }
}

/// A document used as its own query is ranked at or above every document
/// with a higher index: no document scores strictly higher, so only ties
/// with lower indices come first.  Hence it is in the top `k` for every
/// `k > t`, and always in the top 1 when it is document 0.
pub proof fn lemma_self_query_in_top_k(c: &Corpus, t: int, k: nat)
    requires
        c.well_formed(),
        0 <= t < c.n,
        k > t,
    ensures
        c.in_top_k(c.doc_limbs(t), t, k),
{
    let q = c.doc_limbs(t);
    assert forall|i: int| 0 <= i < c.n && #[trigger] c.precedes(q, i, t) implies i < t by {
        lemma_and_count_le_self(c.doc_limbs(i), q, 64 * c.words as nat);
    }
    lemma_rank_below(c, q, t, c.n as nat);
}

/// Asking for more results never loses the relevant document.
pub proof fn lemma_top_k_monotone(c: &Corpus, query: Seq<u64>, t: int, k1: nat, k2: nat)
    requires
        k1 <= k2,
        c.in_top_k(query, t, k1),
    ensures
        c.in_top_k(query, t, k2),
{
}

/// When `i` precedes `t`, every document among the first `m` that
/// precedes `i` also precedes `t`, and `i` itself precedes `t` but not
/// itself.
proof fn lemma_rank_gap(c: &Corpus, query: Seq<u64>, i: int, t: int, m: nat)
    requires
        i != t,
        c.precedes(query, i, t),
    ensures
        c.rank(query, i, m) + (if 0 <= i < m { 1nat } else { 0nat }) <= c.rank(query, t, m),
    decreases m,
{
    if m > 0 {
        lemma_rank_gap(c, query, i, t, (m - 1) as nat);
    }
}

proof fn lemma_rank_excludes_self(c: &Corpus, query: Seq<u64>, t: int, m: nat)
    ensures
        c.rank(query, t, m) + (if 0 <= t < m { 1nat } else { 0nat }) <= m,
    decreases m,
{
    if m > 0 {
        lemma_rank_excludes_self(c, query, t, (m - 1) as nat);
    }
}

/// The ranks form the ranking "higher score first, ties to the lower
/// index": a document that precedes another (in particular one with a
/// strictly higher score) has a strictly smaller rank, and every rank is
/// below `n`; among equal scores the lower index ranks first.  The `n` ranks are therefore `0 .. n - 1` in that order, and
/// a document with `k` documents scoring strictly above it is not in the
/// top `k`.
pub proof fn lemma_rank_orders_by_score(c: &Corpus, query: Seq<u64>, i: int, t: int)
    requires
        0 <= i < c.n,
        0 <= t < c.n,
    ensures
        c.rank(query, t, c.n as nat) < c.n,
        i != t && c.precedes(query, i, t) ==> c.rank(query, i, c.n as nat) < c.rank(
            query,
            t,
            c.n as nat,
        ),
        c.score(query, i) > c.score(query, t) ==> c.rank(query, i, c.n as nat) < c.rank(
            query,
            t,
            c.n as nat,
        ),
        c.score(query, i) == c.score(query, t) && i < t ==> c.rank(query, i, c.n as nat)
            < c.rank(query, t, c.n as nat),
        i != t ==> (c.precedes(query, i, t) || c.precedes(query, t, i)),
{
    lemma_rank_excludes_self(c, query, t, c.n as nat);
    if i != t && c.precedes(query, i, t) {
        lemma_rank_gap(c, query, i, t, c.n as nat);
    }
}

/// Bits of a generated corpus follow the Bernoulli(`p / w`) draw: with
/// `p >= w` every bit of the vocabulary is set, with `p == 0` none is,
/// a larger `p` never clears a bit, and the padding past `w` is clear.
pub proof fn lemma_generated_bernoulli(seed: u64, w: nat, p1: nat, p2: nat, d: nat, b: nat)
    requires
        0 < w <= u64::MAX,
        p1 <= p2 <= u64::MAX,
    ensures
        b < w && p2 >= w ==> generated_bit(seed, w, p2, d, b),
        !generated_bit(seed, w, 0, d, b),
        generated_bit(seed, w, p1, d, b) ==> generated_bit(seed, w, p2, d, b),
        b >= w ==> !generated_bit(seed, w, p1, d, b),
{
    let x = splitmix_output(seed, d * w + b + 1);
    assert(x % (w as u64) < w as u64);
}

/// A corpus built by [`Corpus::new`] with `p >= w` has every vocabulary
/// bit set, and one built with `p == 0` has none.
pub proof fn lemma_generated_corpus_extremes(c: Corpus, n: nat, w: nat, p: nat, seed: u64, d: int, b: int)
    requires
        is_generated(c, n, w, p, seed),
        p <= u64::MAX,
        w <= u64::MAX,
        0 <= d < n,
        0 <= b < w,
    ensures
        p >= w ==> c.bit(d, b),
        p == 0 ==> !c.bit(d, b),
{
    assert(b < 64 * c.words) by (nonlinear_arith)
        requires
            c.words == (w + 63) / 64,
            b < w,
    ;
    lemma_generated_bernoulli(seed, w, p, p, d as nat, b as nat);
    lemma_generated_bernoulli(seed, w, 0, p, d as nat, b as nat);
}

} // verus!
