//! Deterministic `splitmix64` PRNG.

use vstd::prelude::*;

verus! {

/// The `splitmix64` increment (the 64-bit golden ratio).
pub const GOLDEN_GAMMA: u64 = 0x9E37_79B9_7F4A_7C15u64;

/// State after `k` steps from `seed`: `seed + k * GOLDEN_GAMMA (mod 2^64)`.
pub open spec fn splitmix_state(seed: u64, k: nat) -> u64 {
    ((seed as int + k * GOLDEN_GAMMA as int) % 0x1_0000_0000_0000_0000int) as u64
}

/// The output mixing function applied to a state.
#[verifier::opaque]
pub open spec fn splitmix_mix(z: u64) -> u64 {
    let z1 = vstd::wrapping::u64_specs::wrapping_mul(z ^ (z >> 30u64), 0xBF58_476D_1CE4_E5B9u64);
    let z2 = vstd::wrapping::u64_specs::wrapping_mul(z1 ^ (z1 >> 27u64), 0x94D0_49BB_1331_11EBu64);
    z2 ^ (z2 >> 31u64)
}

/// The `k`-th output (`k >= 1`) of a generator seeded with `seed`.
pub open spec fn splitmix_output(seed: u64, k: nat) -> u64 {
    splitmix_mix(splitmix_state(seed, k))
}

/// Advancing the state by one increment moves from step `k` to `k + 1`.
pub proof fn lemma_splitmix_state_next(seed: u64, k: nat)
    ensures
        vstd::wrapping::u64_specs::wrapping_add(splitmix_state(seed, k), GOLDEN_GAMMA)
            == splitmix_state(seed, k + 1),
{
    let m = 0x1_0000_0000_0000_0000int;
    let a = seed as int + k * GOLDEN_GAMMA as int;
    vstd::arithmetic::div_mod::lemma_add_mod_noop(a, GOLDEN_GAMMA as int, m);
    vstd::arithmetic::div_mod::lemma_small_mod(GOLDEN_GAMMA as nat, m as nat);
    vstd::arithmetic::div_mod::lemma_mod_bound(a, m);
    let s = a % m;
    let t = s + GOLDEN_GAMMA as int;
    if t >= m {
        vstd::arithmetic::div_mod::lemma_fundamental_div_mod_converse(t, m, 1, t - m);
    } else {
        vstd::arithmetic::div_mod::lemma_small_mod(t as nat, m as nat);
    }
    assert(a + GOLDEN_GAMMA as int == seed as int + (k + 1) * GOLDEN_GAMMA as int);
}

/// 64-bit `splitmix64` generator.  Any seed is valid.
#[derive(Clone, Copy, Debug)]
pub struct SplitMix64 {
    state: u64,
}

impl SplitMix64 {
    /// The current state.
    pub closed spec fn state(&self) -> u64 {
        self.state
    }

    /// Seed the generator.
    pub fn new(seed: u64) -> (g: Self)
        ensures
            g.state() == seed,
    {
        SplitMix64 { state: seed }
    }

    /// Draw the next 64-bit word.
    pub fn next_u64(&mut self) -> (r: u64)
        ensures
            final(self).state() == vstd::wrapping::u64_specs::wrapping_add(
                old(self).state(),
                GOLDEN_GAMMA,
            ),
            r == splitmix_mix(final(self).state()),
    {
        self.state = self.state.wrapping_add(GOLDEN_GAMMA);
        let mut z = self.state;
        z = (z ^ (z >> 30u64)).wrapping_mul(0xBF58_476D_1CE4_E5B9u64);
        z = (z ^ (z >> 27u64)).wrapping_mul(0x94D0_49BB_1331_11EBu64);
        proof {
            reveal(splitmix_mix);
        }
        z ^ (z >> 31u64)
    }

    /// Draw a Bernoulli(`p_num / p_den`) bit: the next word modulo `p_den`
    /// is below `p_num`.
    pub fn bernoulli(&mut self, p_num: u64, p_den: u64) -> (b: bool)
        requires
            p_den > 0,
        ensures
            final(self).state() == vstd::wrapping::u64_specs::wrapping_add(
                old(self).state(),
                GOLDEN_GAMMA,
            ),
            b == (splitmix_mix(final(self).state()) % p_den < p_num),
    {
        let r = self.next_u64() % p_den;
        r < p_num
    }
}

} // verus!
