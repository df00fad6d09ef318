//! Bits of 64-bit limbs, population counts and the AND-popcount kernel
//! over limb sequences.

use vstd::prelude::*;

verus! {

/// Bit `i` (counted from the least significant end) of `x`.
pub open spec fn bit_of(x: u64, i: int) -> bool {
    (x >> (i as u64)) & 1u64 == 1u64
}

/// Bit `i` of a bit string stored as consecutive 64-bit limbs: bit
/// `i % 64` of limb `i / 64`.
pub open spec fn limb_bit(limbs: Seq<u64>, i: int) -> bool {
    bit_of(limbs[i / 64], i % 64)
}

/// Number of set bits among the lowest `n` bits of `x`.
pub open spec fn popcount_below(x: u64, n: nat) -> nat
    decreases n,
{
    if n == 0 {
        0
    } else {
        popcount_below(x, (n - 1) as nat) + if bit_of(x, n - 1) {
            1nat
        } else {
            0nat
        }
    }
}

/// Number of set bits of `x`.
pub open spec fn popcount(x: u64) -> nat {
    popcount_below(x, 64)
}

/// Number of positions `i < n` at which both limb strings have a set bit.
pub open spec fn and_count_below(a: Seq<u64>, b: Seq<u64>, n: nat) -> nat
    decreases n,
{
    if n == 0 {
        0
    } else {
        and_count_below(a, b, (n - 1) as nat) + if limb_bit(a, n - 1) && limb_bit(b, n - 1) {
            1nat
        } else {
            0nat
        }
    }
}

/// Number of positions `i < n` at which both boolean sequences are `true`.
pub open spec fn count_both(s: Seq<bool>, t: Seq<bool>, n: nat) -> nat
    decreases n,
{
    if n == 0 {
        0
    } else {
        count_both(s, t, (n - 1) as nat) + if s[n - 1] && t[n - 1] {
            1nat
        } else {
            0nat
        }
    }
}

/// Number of positions `i < n` at which the sequence is `true`.
pub open spec fn count_true(s: Seq<bool>, n: nat) -> nat
    decreases n,
{
    if n == 0 {
        0
    } else {
        count_true(s, (n - 1) as nat) + if s[n - 1] {
            1nat
        } else {
            0nat
        }
    }
}

pub proof fn lemma_popcount_below_bound(x: u64, n: nat)
    ensures
        popcount_below(x, n) <= n,
    decreases n,
{
    if n > 0 {
        lemma_popcount_below_bound(x, (n - 1) as nat);
    }
}

pub proof fn lemma_and_count_monotone(a: Seq<u64>, b: Seq<u64>, m: nat, n: nat)
    requires
        m <= n,
    ensures
        and_count_below(a, b, m) <= and_count_below(a, b, n),
    decreases n,
{
    if m < n {
        lemma_and_count_monotone(a, b, m, (n - 1) as nat);
    }
}

pub proof fn lemma_and_count_bound(a: Seq<u64>, b: Seq<u64>, n: nat)
    ensures
        and_count_below(a, b, n) <= n,
    decreases n,
{
    if n > 0 {
        lemma_and_count_bound(a, b, (n - 1) as nat);
    }
}

pub proof fn lemma_count_both_bound(s: Seq<bool>, t: Seq<bool>, n: nat)
    ensures
        count_both(s, t, n) <= n,
    decreases n,
{
    if n > 0 {
        lemma_count_both_bound(s, t, (n - 1) as nat);
    }
}

/// The AND count is symmetric: the Gram matrix of AND-popcounts is
/// symmetric.
pub proof fn lemma_count_both_symmetric(s: Seq<bool>, t: Seq<bool>, n: nat)
    ensures
        count_both(s, t, n) == count_both(t, s, n),
    decreases n,
{
    if n > 0 {
        lemma_count_both_symmetric(s, t, (n - 1) as nat);
    }
}

/// `count_both` of a sequence with itself counts its `true` entries.
pub proof fn lemma_count_both_self(s: Seq<bool>, n: nat)
    ensures
        count_both(s, s, n) == count_true(s, n),
    decreases n,
{
    if n > 0 {
        lemma_count_both_self(s, (n - 1) as nat);
    }
}

/// On the limb view of two limb strings, `count_both` is `and_count_below`.
pub proof fn lemma_count_both_limbs(s: Seq<bool>, t: Seq<bool>, a: Seq<u64>, b: Seq<u64>, n: nat)
    requires
        forall|i: int| 0 <= i < n ==> s[i] == limb_bit(a, i) && t[i] == limb_bit(b, i),
    ensures
        count_both(s, t, n) == and_count_below(a, b, n),
    decreases n,
{
    if n > 0 {
        lemma_count_both_limbs(s, t, a, b, (n - 1) as nat);
    }
}

proof fn lemma_bit_and(x: u64, y: u64, t: u64)
    requires
        t < 64,
    ensures
        ((x & y) >> t) & 1u64 == 1u64 <==> ((x >> t) & 1u64 == 1u64 && (y >> t) & 1u64 == 1u64),
{
    assert(((x & y) >> t) & 1u64 == 1u64 <==> ((x >> t) & 1u64 == 1u64 && (y >> t) & 1u64
        == 1u64)) by (bit_vector)
        requires
            t < 64,
    ;
}

proof fn lemma_div_mod_64(j: int, t: int)
    requires
        0 <= j,
        0 <= t < 64,
    ensures
        (64 * j + t) / 64 == j,
        (64 * j + t) % 64 == t,
{
    vstd::arithmetic::div_mod::lemma_fundamental_div_mod_converse(64 * j + t, 64, j, t);
}

/// Within limb `j`, the bit-level AND count advances by the population
/// count of the AND of the two limbs.
proof fn lemma_and_count_within_limb(a: Seq<u64>, b: Seq<u64>, j: nat, t: nat)
    requires
        j < a.len(),
        j < b.len(),
        t <= 64,
    ensures
        and_count_below(a, b, 64 * j + t) == and_count_below(a, b, 64 * j) + popcount_below(
            a[j as int] & b[j as int],
            t,
        ),
    decreases t,
{
    if t > 0 {
        lemma_and_count_within_limb(a, b, j, (t - 1) as nat);
        let i = 64 * j + t - 1;
        lemma_div_mod_64(j as int, t - 1);
        assert(i / 64 == j && i % 64 == t - 1);
        lemma_bit_and(a[j as int], b[j as int], (t - 1) as u64);
        assert(limb_bit(a, i) && limb_bit(b, i) <==> bit_of(a[j as int] & b[j as int], t - 1));
        assert((64 * j + t - 1) as nat == (64 * j + t - 1));
    }
}

/// Adding one limb to the AND count adds the population count of the AND
/// of the two limbs.
pub proof fn lemma_and_count_next_limb(a: Seq<u64>, b: Seq<u64>, j: nat)
    requires
        j < a.len(),
        j < b.len(),
    ensures
        and_count_below(a, b, 64 * (j + 1)) == and_count_below(a, b, 64 * j) + popcount(
            a[j as int] & b[j as int],
        ),
{
    lemma_and_count_within_limb(a, b, j, 64);
    assert(64 * (j + 1) == 64 * j + 64);
}

/// Population count of a 64-bit word.
pub fn popcount64(x: u64) -> (r: u32)
    ensures
        r == popcount(x),
{
    let mut c: u32 = 0;
    let mut i: u64 = 0;
    while i < 64
        invariant
            i <= 64,
            c == popcount_below(x, i as nat),
            c <= i,
        decreases 64 - i,
    {
        let b = (x >> i) & 1u64;
        assert(b == 0u64 || b == 1u64) by (bit_vector)
            requires
                b == (x >> i) & 1u64,
        ;
        proof {
            lemma_popcount_below_bound(x, i as nat);
            assert(bit_of(x, i as int) == (b == 1u64));
        }
        c = c + b as u32;
        i = i + 1;
    }
    c
}

/// AND-popcount of two limb strings of the same length.
pub fn limbs_and_popcount(a: &[u64], b: &[u64]) -> (r: u32)
    requires
        a.len() == b.len(),
        and_count_below(a@, b@, 64 * a.len() as nat) <= u32::MAX,
    ensures
        r == and_count_below(a@, b@, 64 * a.len() as nat),
{
    let mut s: u32 = 0;
    let mut k: usize = 0;
    while k < a.len()
        invariant
            a.len() == b.len(),
            k <= a.len(),
            s == and_count_below(a@, b@, 64 * k as nat),
            and_count_below(a@, b@, 64 * a.len() as nat) <= u32::MAX,
        decreases a.len() - k,
    {
        let c = popcount64(a[k] & b[k]);
        proof {
            lemma_and_count_next_limb(a@, b@, k as nat);
            lemma_and_count_monotone(a@, b@, 64 * (k + 1) as nat, 64 * a.len() as nat);
        }
        s = s + c;
        k = k + 1;
    }
    s
}

} // verus!
