# bitrag_theorems

Verified integer kernels behind the F2 bit-vector retrieval scaling law
(Theorem B, `R = f(Nw/p)`) and the tropical rank bound (Lemma T5).

Layout:

- `src/` — the Verus library. Every function carries a contract over
  mathematical models (bit sequences, PRNG streams, spec functions for the
  fixed-point series) and is proved:
  - `bits` — bits of limbs, population counts, the AND-popcount kernel;
  - `corpus` — `BitVec`, document sampling, the integer part of the
    empirical recall@k measurement;
  - `prng`, `splitmix` — the xorshift64 and splitmix64 generators;
  - `synth` — the IID-Bernoulli corpus and exact recall@k ranking;
  - `tropical`, `tropical_fit` — the Lemma T5 bound, (max, +)
    reconstruction and the rank-1 tropical fit of Gram blocks;
  - `fixed_point` — fixed-point `1 - exp(-xi)`, integer `ln` and the F2
    Johnson–Lindenstrauss bound;
  - `exp_doubling` — the doubling form of `exp(-xi)` and its running
    maximum over the `xi` grid;
  - `failure_cases`, `cross_corpus` — the corpora and measurements of the
    supplementary experiments.
- `tests/` — unit and scenario tests against the compiled library.
- `app/` — the command-line harness that prints the experiment tables, and
  the floating-point closed forms (`xi`, `recall_at_k`, the JL ratios),
  which have no place in the float-free library.
