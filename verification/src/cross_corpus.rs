//! Cross-corpus validation: empirical recall@1 on fresh synthetic corpora
//! against the Theorem B prediction.

use vstd::prelude::*;
use crate::synth::{Corpus, is_generated};
use crate::failure_cases::{DENOM, empirical_recall, masked_hits, masked_scores_fit};
use crate::fixed_point::{f_two_term, f_two_term_spec};

verus! {

/// Seed offset of the query stream of [`run`].
pub const QUERY_SALT: u64 = 0xCAFE;

/// One corpus setting of the cross-corpus table.
#[derive(Clone, Copy)]
pub struct Setting {
    /// Row label.
    pub name: &'static str,
    /// Number of documents.
    pub n: usize,
    /// Vocabulary size.
    pub w: usize,
    /// Mean per-document load.
    pub p: usize,
    /// Corpus seed.
    pub seed: u64,
}

/// Generate the corpus of setting `s` and measure its empirical recall@1
/// over `queries` masked self-queries (query stream seeded with
/// `s.seed + QUERY_SALT`, wrapping).  Returns `(empirical, predicted)` in
/// fixed point with denominator [`DENOM`], the prediction being
/// `f(n * w / (2 p))`: the masked queries keep about half of the load.
/// The measurement must fit its integer types: every query's score within
/// `u32`, and `hits * DENOM` within `u64`.
pub fn run(s: Setting, queries: usize) -> (r: (u64, u64))
    requires
        s.w > 0,
        s.n > 0,
        s.p > 0,
        s.w + 63 <= usize::MAX,
        s.n * ((s.w + 63) / 64) <= usize::MAX,
        2 * s.p <= usize::MAX,
        s.n * s.w * DENOM <= u128::MAX,
        queries > 0,
        forall|c: Corpus|
            #[trigger] is_generated(c, s.n as nat, s.w as nat, s.p as nat, s.seed) ==> {
                &&& masked_scores_fit(
                    c,
                    vstd::wrapping::u64_specs::wrapping_add(s.seed, QUERY_SALT),
                    queries as nat,
                )
                &&& masked_hits(
                    c,
                    vstd::wrapping::u64_specs::wrapping_add(s.seed, QUERY_SALT),
                    queries as nat,
                ) * DENOM <= u64::MAX
            },
    ensures
        exists|c: Corpus|
            {
                &&& is_generated(c, s.n as nat, s.w as nat, s.p as nat, s.seed)
                &&& r.0 == #[trigger] masked_hits(
                    c,
                    vstd::wrapping::u64_specs::wrapping_add(s.seed, QUERY_SALT),
                    queries as nat,
                ) * DENOM / (queries as int)
            },
        r.1 == f_two_term_spec(s.n as nat, s.w as nat, (2 * s.p) as nat, DENOM as nat),
{
    let c = Corpus::new(s.n, s.w, s.p, s.seed);
    assert(is_generated(c, s.n as nat, s.w as nat, s.p as nat, s.seed));
    let empirical = empirical_recall(&c, queries, s.seed.wrapping_add(QUERY_SALT));
    let predicted = f_two_term(s.n, s.w, 2 * s.p, DENOM);
    (empirical, predicted)
}

} // verus!
