//! Integer kernels of the F2 bit-vector retrieval scaling law: bit-vectors
//! with AND-popcount scoring, deterministic PRNGs, synthetic corpora,
//! recall measurement, (max, +) reconstruction and the fixed-point
//! approximations used by the experiments.

pub mod bits;
pub mod corpus;
pub mod cross_corpus;
pub mod exp_doubling;
pub mod failure_cases;
pub mod fixed_point;
pub mod prng;
pub mod splitmix;
pub mod synth;
pub mod tropical;
pub mod tropical_fit;
