//! Deterministic xorshift64 PRNG with the (13, 7, 17) shift triplet.

use vstd::prelude::*;

verus! {

/// One step of the (13, 7, 17) xorshift recurrence.
pub open spec fn xorshift_step(x: u64) -> u64 {
    let a = x ^ (x << 13u64);
    let b = a ^ (a >> 7u64);
    b ^ (b << 17u64)
}

/// The state reached from `x` after `k` steps.
pub open spec fn xorshift_iter(x: u64, k: nat) -> u64
    decreases k,
{
    if k == 0 {
        x
    } else {
        xorshift_step(xorshift_iter(x, (k - 1) as nat))
    }
}

/// A step of the recurrence never maps a non-zero state to zero, so a
/// generator seeded with a non-zero value never gets stuck at zero.
pub proof fn lemma_step_nonzero(x: u64)
    requires
        x != 0,
    ensures
        xorshift_step(x) != 0,
{
    let a = x ^ (x << 13u64);
    let b = a ^ (a >> 7u64);
    let c = b ^ (b << 17u64);
    assert(x != 0 ==> x ^ (x << 13u64) != 0) by (bit_vector);
    assert(a != 0 ==> a ^ (a >> 7u64) != 0) by (bit_vector);
    assert(b != 0 ==> b ^ (b << 17u64) != 0) by (bit_vector);
}

/// The step is injective: distinct states have distinct successors, so
/// every stream is a cycle of the state permutation that returns to its
/// seed.
pub proof fn lemma_step_injective(x: u64, y: u64)
    requires
        x != y,
    ensures
        xorshift_step(x) != xorshift_step(y),
{
    let ax = x ^ (x << 13u64);
    let ay = y ^ (y << 13u64);
    let bx = ax ^ (ax >> 7u64);
    let by = ay ^ (ay >> 7u64);
    assert(x ^ (x << 13u64) == y ^ (y << 13u64) ==> x == y) by (bit_vector);
    assert(ax ^ (ax >> 7u64) == ay ^ (ay >> 7u64) ==> ax == ay) by (bit_vector);
    assert(bx ^ (bx << 17u64) == by ^ (by << 17u64) ==> bx == by) by (bit_vector);
}

/// Every state reached from a non-zero seed is non-zero.
pub proof fn lemma_iter_nonzero(x: u64, k: nat)
    requires
        x != 0,
    ensures
        xorshift_iter(x, k) != 0,
    decreases k,
{
    if k > 0 {
        lemma_iter_nonzero(x, (k - 1) as nat);
        lemma_step_nonzero(xorshift_iter(x, (k - 1) as nat));
    }
}

/// Stepping `j` times and then `k` more times is stepping `j + k` times.
pub proof fn lemma_iter_add(x: u64, j: nat, k: nat)
    ensures
        xorshift_iter(xorshift_iter(x, j), k) == xorshift_iter(x, j + k),
    decreases k,
{
    if k > 0 {
        lemma_iter_add(x, j, (k - 1) as nat);
    }
}

/// 64-bit xorshift state.  The state is never zero.
#[derive(Clone, Copy, Debug)]
pub struct XorShift64 {
    state: u64,
}

impl XorShift64 {
    /// The current state of the generator.
    pub closed spec fn state(&self) -> u64 {
        self.state
    }

    #[verifier::type_invariant]
    spec fn state_nonzero(self) -> bool {
        self.state != 0
    }

    /// Create a new generator from a non-zero seed.
    pub fn new(seed: u64) -> (g: Self)
        requires
            seed != 0,
        ensures
            g.state() == seed,
    {
        XorShift64 { state: seed }
    }

    /// Step the generator once and return the new state.
    pub fn next_u64(&mut self) -> (r: u64)
        ensures
            final(self).state() == xorshift_step(old(self).state()),
            r == final(self).state(),
            final(self).state() != 0,
    {
        proof {
            use_type_invariant(&*self);
            lemma_step_nonzero(self.state);
        }
        let mut x = self.state;
        x = x ^ (x << 13u64);
        x = x ^ (x >> 7u64);
        x = x ^ (x << 17u64);
        self.state = x;
        x
    }

    /// Return the low 32 bits of the next `u64`.
    pub fn next_u32(&mut self) -> (r: u32)
        ensures
            final(self).state() == xorshift_step(old(self).state()),
            r == final(self).state() as u32,
    {
        let x = self.next_u64();
        x as u32
    }

    /// Return an integer in `[0, n)` by the Lemire 64-bit multiply-shift
    /// reduction: the high 64 bits of `next_u64() * n`.
    pub fn gen_range(&mut self, n: u64) -> (r: u64)
        requires
            n > 0,
        ensures
            final(self).state() == xorshift_step(old(self).state()),
            r as int == (final(self).state() as int * n as int) / 0x1_0000_0000_0000_0000int,
            r < n,
    {
        let x = self.next_u64();
        assert((x as int) * (n as int) <= 0xffff_ffff_ffff_ffff * 0xffff_ffff_ffff_ffff)
            by (nonlinear_arith)
            requires
                x <= 0xffff_ffff_ffff_ffffu64,
                n <= 0xffff_ffff_ffff_ffffu64,
        ;
        let m: u128 = (x as u128) * (n as u128);
        assert(m >> 64u128 == m / 0x1_0000_0000_0000_0000u128) by (bit_vector);
        assert((x as int) * (n as int) / 0x1_0000_0000_0000_0000int < n as int) by (nonlinear_arith)
            requires
                0 <= x < 0x1_0000_0000_0000_0000int,
                n > 0,
        ;
        (m >> 64u128) as u64
    }
}

} // verus!
